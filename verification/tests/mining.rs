use orphan::block::ChainTip;
use orphan::fork::{ForkMiner, MineAction, MineEvent, MineReply, MineStage};
use std::collections::HashSet;

/// A small model of Bitcoin Core's block tree: the tip is the highest block
/// none of whose ancestors is invalidated; on a tie the current tip stays,
/// else the block seen first wins.
struct Node {
    blocks: Vec<(String, u64, Option<String>)>,
    invalid: HashSet<String>,
    tip: String,
    mined: usize,
    fetched: Vec<String>,
    commands: Vec<String>,
    fail_on: Option<String>,
}

impl Node {
    fn new() -> Node {
        Node {
            blocks: vec![("G".to_string(), 0, None)],
            invalid: HashSet::new(),
            tip: "G".to_string(),
            mined: 0,
            fetched: Vec::new(),
            commands: Vec::new(),
            fail_on: None,
        }
    }

    fn add(&mut self, hash: &str, prev: &str) {
        let h = self.get(prev).expect("known parent").0 + 1;
        self.blocks.push((hash.to_string(), h, Some(prev.to_string())));
    }

    fn get(&self, hash: &str) -> Option<(u64, Option<String>)> {
        self.blocks.iter().find(|b| b.0 == hash).map(|b| (b.1, b.2.clone()))
    }

    fn ancestors(&self, hash: &str) -> Vec<String> {
        let mut out = Vec::new();
        let mut cur = Some(hash.to_string());
        while let Some(h) = cur {
            cur = self.get(&h).and_then(|b| b.1);
            out.push(h);
        }
        out
    }

    fn valid(&self, hash: &str) -> bool {
        self.ancestors(hash).iter().all(|h| !self.invalid.contains(h))
    }

    fn choose_tip(&mut self) {
        let best = self
            .blocks
            .iter()
            .filter(|b| self.valid(&b.0))
            .map(|b| b.1)
            .max()
            .unwrap_or(0);
        if self.valid(&self.tip) && self.get(&self.tip).unwrap().0 == best {
            return;
        }
        let t = self.blocks.iter().find(|b| self.valid(&b.0) && b.1 == best).unwrap().0.clone();
        self.tip = t;
    }

    fn confirmations(&self, hash: &str) -> i64 {
        if self.ancestors(&self.tip).iter().any(|h| h == hash) {
            (self.get(&self.tip).unwrap().0 - self.get(hash).unwrap().0 + 1) as i64
        } else {
            -1
        }
    }

    fn tips(&self) -> Vec<ChainTip> {
        self.blocks
            .iter()
            .filter(|b| !self.blocks.iter().any(|c| c.2.as_deref() == Some(b.0.as_str())))
            .map(|b| ChainTip {
                height: b.1,
                hash: b.0.clone(),
                branchlen: 0,
                status: if b.0 == self.tip {
                    "active".to_string()
                } else if !self.valid(&b.0) {
                    "invalid".to_string()
                } else {
                    "valid-fork".to_string()
                },
            })
            .collect()
    }

    fn answer(&mut self, action: MineAction) -> Result<MineEvent, Result<MineReply, String>> {
        let name = match &action {
            MineAction::GetBlock(_) => "getblock",
            MineAction::GetBestBlockHash => "getbestblockhash",
            MineAction::GetChainTips => "getchaintips",
            MineAction::InvalidateBlock(_) => "invalidateblock",
            MineAction::GetNewAddress => "getnewaddress",
            MineAction::GenerateToAddress { .. } => "generatetoaddress",
            MineAction::ReconsiderBlock(_) => "reconsiderblock",
            _ => "",
        };
        if self.fail_on.as_deref() == Some(name) {
            return Ok(MineEvent::Failed(format!("RPC error: {name} failed")));
        }
        Ok(match action {
            MineAction::GetBlock(h) => {
                self.fetched.push(h.clone());
                match self.get(&h) {
                    Some((height, prev)) => MineEvent::Block { height, prev, confirmations: self.confirmations(&h) },
                    None => MineEvent::Failed("RPC error: Block not found".to_string()),
                }
            }
            MineAction::GetBestBlockHash => MineEvent::BestHash(self.tip.clone()),
            MineAction::GetChainTips => MineEvent::Tips(self.tips()),
            MineAction::InvalidateBlock(h) => {
                self.commands.push(format!("invalidate {h}"));
                self.invalid.insert(h);
                self.choose_tip();
                MineEvent::Done
            }
            MineAction::GetNewAddress => MineEvent::Address("addr".to_string()),
            MineAction::GenerateToAddress { count, .. } => {
                assert_eq!(count, 1);
                self.mined += 1;
                let h = format!("M{}", self.mined);
                let tip = self.tip.clone();
                self.add(&h, &tip);
                self.tip = h.clone();
                MineEvent::Mined(vec![h])
            }
            MineAction::ReconsiderBlock(h) => {
                self.commands.push(format!("reconsider {h}"));
                self.invalid.remove(&h);
                self.choose_tip();
                MineEvent::Done
            }
            MineAction::Reply(r) => return Err(Ok(r)),
            MineAction::Fail(e) => return Err(Err(e)),
        })
    }

    fn run(&mut self, start: (ForkMiner, MineAction)) -> Result<MineReply, String> {
        let (mut miner, mut action) = start;
        loop {
            match self.answer(action) {
                Ok(event) => action = miner.step(event),
                Err(end) => return end,
            }
        }
    }
}

/// Mines on `parent` and checks that the new block extends it and that every
/// block set aside is reconsidered.
fn mine_on(node: &mut Node, parent: &str) -> MineReply {
    let reply = node.run(ForkMiner::on_block(parent.to_string())).expect("mining succeeds");
    assert_eq!(reply.mined.len(), 1);
    let (_, prev) = node.get(&reply.mined[0]).unwrap();
    assert_eq!(prev.as_deref(), Some(parent), "mined block extends the requested parent");
    assert!(node.invalid.is_empty(), "every block set aside is reconsidered");
    reply
}

/// G - A - B - C, active.
fn straight() -> Node {
    let mut n = Node::new();
    n.add("A", "G");
    n.add("B", "A");
    n.add("C", "B");
    n.tip = "C".to_string();
    n
}

#[test]
fn mining_on_the_best_chain() {
    let mut node = straight();
    let reply = node.run(ForkMiner::on_best_chain()).unwrap();
    assert_eq!(reply.address, "addr");
    assert!(reply.fork.is_none());
    assert_eq!(node.get(&reply.mined[0]).unwrap().1.as_deref(), Some("C"));
}

#[test]
fn mining_on_the_tip_is_plain_mining() {
    let mut node = straight();
    let reply = mine_on(&mut node, "C");
    assert!(reply.fork.is_none());
    assert!(node.commands.is_empty());
}

#[test]
fn mining_below_the_tip_sets_aside_the_block_above() {
    let mut node = straight();
    let reply = mine_on(&mut node, "A");
    let note = reply.fork.expect("fork note");
    assert_eq!(note.parent, "A");
    assert!(note.fork_created);
    assert_eq!(node.commands, vec!["invalidate B", "reconsider B"]);
}

#[test]
fn mining_on_a_stale_block_at_the_tip_height() {
    // G - A active, G - E stale
    let mut node = Node::new();
    node.add("A", "G");
    node.add("E", "G");
    node.tip = "A".to_string();
    let reply = mine_on(&mut node, "E");
    let note = reply.fork.expect("fork note");
    assert_eq!(note.parent, "E");
    assert!(note.fork_created);
    assert_eq!(node.commands, vec!["invalidate A", "reconsider A"]);
}

#[test]
fn keep_mining_on_a_stale_fork_tip() {
    // G - A - B - C active, A - X stale (one below the best height)
    let mut node = straight();
    node.add("X", "A");
    let first = mine_on(&mut node, "X");
    assert!(first.fork.unwrap().fork_created);
    // the fork now has as much work as the active chain; keep mining on it
    let tip = first.mined[0].clone();
    let second = node.run(ForkMiner::on_block(tip.clone())).unwrap();
    let (_, prev) = node.get(&second.mined[0]).unwrap();
    assert_eq!(prev.as_deref(), Some(tip.as_str()));
    assert!(node.invalid.is_empty());
}

#[test]
fn children_of_the_parent_are_set_aside_too() {
    // G - A - B active, A - X - Y stale; mine on X
    let mut node = Node::new();
    node.add("A", "G");
    node.add("B", "A");
    node.add("X", "A");
    node.add("Y", "X");
    node.tip = "B".to_string();
    mine_on(&mut node, "X");
    assert_eq!(node.commands, vec!["invalidate B", "invalidate Y", "reconsider B", "reconsider Y"]);
}

#[test]
fn rival_forks_sharing_a_block_set_aside_once() {
    // G - A - B - C active, A - Q - R stale, G - P stale; mine on P
    let mut node = straight();
    node.add("Q", "A");
    node.add("R", "Q");
    node.add("P", "G");
    mine_on(&mut node, "P");
    assert_eq!(node.commands, vec!["invalidate A", "reconsider A"]);
}

#[test]
fn invalid_tips_are_not_walked() {
    let mut node = straight();
    node.add("Z", "A");
    node.invalid.insert("Z".to_string());
    node.add("X", "B");
    let reply = node.run(ForkMiner::on_block("X".to_string())).unwrap();
    assert_eq!(node.get(&reply.mined[0]).unwrap().1.as_deref(), Some("X"));
    assert!(!node.fetched.contains(&"Z".to_string()));
    assert_eq!(node.commands, vec!["invalidate C", "reconsider C"]);
}

#[test]
fn unknown_parent_fails() {
    let mut node = straight();
    match node.run(ForkMiner::on_block("nope".to_string())) {
        Err(e) => assert_eq!(e, "RPC error: Block not found"),
        Ok(_) => panic!("expected a failure"),
    }
}

#[test]
fn failure_while_reconsidering_is_reported() {
    let mut node = straight();
    node.fail_on = Some("reconsiderblock".to_string());
    match node.run(ForkMiner::on_block("A".to_string())) {
        Err(e) => assert_eq!(e, "RPC error: reconsiderblock failed"),
        Ok(_) => panic!("expected a failure"),
    }
}

#[test]
fn failure_ends_the_plan_with_its_message() {
    let (mut m, _) = ForkMiner::on_block("t".into());
    match m.step(MineEvent::Failed("RPC error: Block not found".into())) {
        MineAction::Fail(e) => assert_eq!(e, "RPC error: Block not found"),
        _ => panic!("expected Fail"),
    }
    assert!(matches!(m.stage, MineStage::Finished));
}
