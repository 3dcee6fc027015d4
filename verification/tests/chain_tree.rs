use orphan::block::{BlockInfo, BlockNode, BlockchainInfo, ChainTip};
use orphan::chain::ChainState;
use orphan::store::BlockStore;
use orphan::sync::{SyncAction, SyncWalk};
use std::collections::HashMap;

fn info(hash: &str, height: u64, prev: Option<&str>, confirmations: i64) -> BlockInfo {
    BlockInfo {
        hash: hash.to_string(),
        height,
        version: 536870912,
        time: 1_700_000_000 + height,
        nonce: 7,
        bits: "207fffff".to_string(),
        previousblockhash: prev.map(|p| p.to_string()),
        nextblockhash: None,
        merkleroot: format!("m{hash}"),
        n_tx: 1,
        size: 250,
        weight: 1000,
        confirmations,
    }
}

fn node(hash: &str, height: u64, prev: Option<&str>) -> BlockNode {
    BlockNode::from_info(&info(hash, height, prev, 1))
}

fn active_of(blocks: &[BlockNode], hash: &str) -> bool {
    blocks.iter().find(|b| b.hash == hash).expect("block listed").is_active
}

#[test]
fn node_from_info_copies_fields_and_reads_activity() {
    let b = info("aa", 3, Some("bb"), 2);
    let n = BlockNode::from(&b);
    assert_eq!(n.hash, "aa");
    assert_eq!(n.height, 3);
    assert_eq!(n.prev_hash.as_deref(), Some("bb"));
    assert_eq!(n.time, 1_700_000_003);
    assert_eq!(n.n_tx, 1);
    assert_eq!(n.size, 250);
    assert_eq!(n.weight, 1000);
    assert_eq!(n.confirmations, 2);
    assert!(n.is_active);
}

#[test]
fn stale_block_reported_with_negative_confirmations_is_inactive() {
    assert!(!BlockNode::from_info(&info("s", 2, Some("p"), -1)).is_active);
    assert!(BlockNode::from_info(&info("t", 2, Some("p"), 0)).is_active);
}

#[test]
fn genesis_has_no_parent() {
    let n = BlockNode::from_info(&info("g", 0, None, 10));
    assert!(n.prev_hash.is_none());
}

#[test]
fn new_chain_state_is_empty() {
    let c = ChainState::new();
    assert!(c.get_all_blocks().is_empty());
    assert!(c.best_hash.is_none());
    assert_eq!(c.blocks.len(), 0);
}

#[test]
fn added_block_is_listed_and_found() {
    let mut c = ChainState::new();
    c.add_block(node("a", 1, Some("g")));
    c.add_block(node("b", 2, Some("a")));
    let all = c.get_all_blocks();
    assert_eq!(all.len(), 2);
    assert_eq!(all[0].hash, "a");
    assert_eq!(all[1].hash, "b");
    assert!(c.blocks.contains_key(&"a".to_string()));
    assert!(!c.blocks.contains_key(&"zz".to_string()));
    assert_eq!(c.blocks.get(&"b".to_string()).map(|n| n.height), Some(2));
    assert!(c.blocks.get(&"zz".to_string()).is_none());
}

#[test]
fn adding_a_known_hash_replaces_the_block_in_place() {
    let mut c = ChainState::new();
    c.add_block(node("a", 1, Some("g")));
    c.add_block(node("b", 2, Some("a")));
    let mut again = node("a", 1, Some("g"));
    again.n_tx = 9;
    c.add_block(again);
    let all = c.get_all_blocks();
    assert_eq!(all.len(), 2);
    assert_eq!(all[0].hash, "a");
    assert_eq!(all[0].n_tx, 9);
}

#[test]
fn refresh_best_hash_needs_tips_and_hash() {
    let mut c = ChainState::new();
    c.refresh_best_hash(false, Some("x".to_string()));
    assert!(c.best_hash.is_none());
    c.refresh_best_hash(true, None);
    assert!(c.best_hash.is_none());
    c.refresh_best_hash(true, Some("x".to_string()));
    assert_eq!(c.best_hash.as_deref(), Some("x"));
    c.refresh_best_hash(true, None);
    assert_eq!(c.best_hash.as_deref(), Some("x"));
}

#[test]
fn refresh_marks_the_active_chain_anew() {
    // G active, E stale; the node now reports E as its best block
    let mut c = ChainState::new();
    c.add_block(node("G", 0, None));
    c.add_block(BlockNode::from_info(&info("E", 1, Some("G"), -1)));
    c.add_block(node("A", 1, Some("G")));
    c.refresh_best_hash(true, Some("E".to_string()));
    let all = c.get_all_blocks();
    assert!(active_of(&all, "E"));
    assert!(active_of(&all, "G"));
    assert!(!active_of(&all, "A"));
    // without the tips nothing changes
    c.refresh_best_hash(false, Some("A".to_string()));
    assert!(active_of(&c.get_all_blocks(), "E"));
}

/// g <- a <- b <- c (active)      a <- x <- y (stale branch)
fn fork_tree() -> HashMap<String, BlockNode> {
    let mut m = HashMap::new();
    for n in [
        node("g", 0, None),
        node("a", 1, Some("g")),
        node("b", 2, Some("a")),
        node("c", 3, Some("b")),
        node("x", 2, Some("a")),
        node("y", 3, Some("x")),
    ] {
        m.insert(n.hash.clone(), n);
    }
    m
}

/// Drives a rebuild against `known`, failing the fetches of `failing`;
/// returns the walk and the hashes fetched, in order.
fn run_sync(tips: &[&str], known: &HashMap<String, BlockNode>, failing: &[&str]) -> (SyncWalk, Vec<String>) {
    let mut walk = SyncWalk::new(tips.iter().map(|t| t.to_string()).collect());
    let mut fetched = Vec::new();
    loop {
        match walk.next_action() {
            SyncAction::Fetch(h) => {
                fetched.push(h.clone());
                let answer = if failing.contains(&h.as_str()) { None } else { known.get(&h).cloned() };
                walk.on_fetched(answer);
            }
            SyncAction::Finished => break,
        }
    }
    (walk, fetched)
}

#[test]
fn sync_walks_every_tip_and_fetches_each_block_once() {
    let known = fork_tree();
    let (walk, fetched) = run_sync(&["c", "y"], &known, &[]);
    assert_eq!(fetched, vec!["c", "b", "a", "g", "y", "x"]);
    assert_eq!(walk.store.len(), 6);
}

#[test]
fn sync_skips_tips_already_fetched() {
    let known = fork_tree();
    let (walk, fetched) = run_sync(&["c", "b", "y"], &known, &[]);
    assert_eq!(fetched, vec!["c", "b", "a", "g", "y", "x"]);
    assert_eq!(walk.store.len(), 6);
}

#[test]
fn sync_stops_a_walk_at_a_failed_fetch() {
    let known = fork_tree();
    let (walk, fetched) = run_sync(&["c", "y"], &known, &["a"]);
    // the walk from c stops at a; the walk from y asks for a again and stops there too
    assert_eq!(fetched, vec!["c", "b", "a", "y", "x", "a"]);
    assert_eq!(walk.store.len(), 4);
    assert!(!walk.store.contains_key(&"a".to_string()));
}

#[test]
fn sync_with_no_tips_is_finished_at_once() {
    let known = fork_tree();
    let (walk, fetched) = run_sync(&[], &known, &[]);
    assert!(fetched.is_empty());
    assert_eq!(walk.store.len(), 0);
}

#[test]
fn install_sync_marks_the_active_chain() {
    let known = fork_tree();
    let (walk, _) = run_sync(&["c", "y"], &known, &[]);
    let mut chain = ChainState::new();
    chain.install_sync(walk, "c".to_string());
    assert_eq!(chain.best_hash.as_deref(), Some("c"));
    let all = chain.get_all_blocks();
    assert_eq!(all.len(), 6);
    for h in ["c", "b", "a", "g"] {
        assert!(active_of(&all, h), "{h} should be active");
    }
    for h in ["x", "y"] {
        assert!(!active_of(&all, h), "{h} should be stale");
    }
}

#[test]
fn reorg_swaps_active_and_stale_blocks() {
    let mut known = fork_tree();
    let z = node("z", 4, Some("y"));
    known.insert("z".to_string(), z);
    let (walk, _) = run_sync(&["c", "z"], &known, &[]);
    let mut chain = ChainState::new();
    chain.install_sync(walk, "z".to_string());
    let all = chain.get_all_blocks();
    for h in ["z", "y", "x", "a", "g"] {
        assert!(active_of(&all, h), "{h} should be active");
    }
    for h in ["c", "b"] {
        assert!(!active_of(&all, h), "{h} should be stale");
    }
}

#[test]
fn unknown_best_hash_leaves_every_block_stale() {
    let known = fork_tree();
    let (walk, _) = run_sync(&["c"], &known, &[]);
    let mut chain = ChainState::new();
    chain.install_sync(walk, "nope".to_string());
    assert!(chain.get_all_blocks().iter().all(|b| !b.is_active));
}

#[test]
fn marking_is_idempotent() {
    let known = fork_tree();
    let mut store = BlockStore::new();
    for (k, v) in known.iter() {
        store.insert(k.clone(), v.clone());
    }
    store.mark_active_chain(&"y".to_string());
    let first: Vec<(String, bool)> = store.values().iter().map(|b| (b.hash.clone(), b.is_active)).collect();
    store.mark_active_chain(&"y".to_string());
    let second: Vec<(String, bool)> = store.values().iter().map(|b| (b.hash.clone(), b.is_active)).collect();
    assert_eq!(first, second);
}

#[test]
fn marking_a_cyclic_tree_terminates() {
    let mut store = BlockStore::new();
    store.insert("p".to_string(), node("p", 5, Some("q")));
    store.insert("q".to_string(), node("q", 4, Some("p")));
    store.insert("r".to_string(), node("r", 1, None));
    store.mark_active_chain(&"p".to_string());
    let v = store.values();
    assert!(v[0].is_active && v[1].is_active && !v[2].is_active);
}

#[test]
fn tip_and_info_records_hold_their_fields() {
    let t = ChainTip { height: 4, hash: "h".to_string(), branchlen: 1, status: "valid-fork".to_string() };
    assert_eq!(t.branchlen, 1);
    let i = BlockchainInfo { chain: "regtest".to_string(), blocks: 4, bestblockhash: "h".to_string() };
    assert_eq!(i.chain, "regtest");
}

#[test]
fn resync_on_an_unchanged_node_gives_the_same_tree() {
    let known = fork_tree();
    let (w1, _) = run_sync(&["c", "y"], &known, &[]);
    let (w2, _) = run_sync(&["c", "y"], &known, &[]);
    let mut c1 = ChainState::new();
    c1.install_sync(w1, "c".to_string());
    let mut c2 = ChainState::new();
    c2.install_sync(w2, "c".to_string());
    let l1: Vec<(String, bool)> = c1.get_all_blocks().iter().map(|b| (b.hash.clone(), b.is_active)).collect();
    let l2: Vec<(String, bool)> = c2.get_all_blocks().iter().map(|b| (b.hash.clone(), b.is_active)).collect();
    assert_eq!(l1, l2);
    assert_eq!(c1.best_hash, c2.best_hash);
}
