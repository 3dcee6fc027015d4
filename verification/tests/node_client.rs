use orphan::api::ApiError;
use orphan::event::BlockEvent;
use orphan::poll::PollTracker;
use orphan::rpc::{
    authorization_header, basic_auth_token, expect_text, has_loaded_wallet, settle_reply, text_contains,
    wallet_after_create, RpcCall, RpcFailure, RpcParam,
};

fn text(p: &RpcParam) -> Option<&str> {
    match p {
        RpcParam::Text(s) => Some(s.as_str()),
        RpcParam::Number(_) => None,
    }
}

fn number(p: &RpcParam) -> Option<u64> {
    match p {
        RpcParam::Number(n) => Some(*n),
        RpcParam::Text(_) => None,
    }
}

#[test]
fn basic_auth_token_is_base64_of_user_colon_pass() {
    assert_eq!(basic_auth_token("bitcoin", "bitcoin"), "Yml0Y29pbjpiaXRjb2lu");
    assert_eq!(basic_auth_token("", ""), "Og==");
    assert_eq!(basic_auth_token("a", "bc"), "YTpiYw==");
}

#[test]
fn authorization_header_is_basic_scheme() {
    let t = basic_auth_token("bitcoin", "bitcoin");
    assert_eq!(authorization_header(&t), "Basic Yml0Y29pbjpiaXRjb2lu");
}

#[test]
fn commands_carry_their_method_and_params() {
    let c = RpcCall::get_block("abc");
    assert_eq!(c.method, "getblock");
    assert_eq!(c.params.len(), 2);
    assert_eq!(text(&c.params[0]), Some("abc"));
    assert_eq!(number(&c.params[1]), Some(1));

    let c = RpcCall::get_block_hex("abc");
    assert_eq!(c.method, "getblock");
    assert_eq!(number(&c.params[1]), Some(0));

    let c = RpcCall::generate_to_address(1, "bcrt1q");
    assert_eq!(c.method, "generatetoaddress");
    assert_eq!(number(&c.params[0]), Some(1));
    assert_eq!(text(&c.params[1]), Some("bcrt1q"));

    let c = RpcCall::get_block_hash(7);
    assert_eq!(c.method, "getblockhash");
    assert_eq!(number(&c.params[0]), Some(7));

    let c = RpcCall::create_wallet();
    assert_eq!(c.method, "createwallet");
    assert_eq!(text(&c.params[0]), Some("default"));

    assert_eq!(RpcCall::get_blockchain_info().method, "getblockchaininfo");
    assert_eq!(RpcCall::get_best_block_hash().method, "getbestblockhash");
    assert_eq!(RpcCall::get_chain_tips().method, "getchaintips");
    assert_eq!(RpcCall::get_new_address().method, "getnewaddress");
    assert_eq!(RpcCall::list_wallets().method, "listwallets");
    assert!(RpcCall::list_wallets().params.is_empty());
    assert_eq!(RpcCall::invalidate_block("h").method, "invalidateblock");
    assert_eq!(text(&RpcCall::invalidate_block("h").params[0]), Some("h"));
    assert_eq!(RpcCall::reconsider_block("h").method, "reconsiderblock");
    assert_eq!(RpcCall::submit_block("00ff").method, "submitblock");
    assert_eq!(text(&RpcCall::submit_block("00ff").params[0]), Some("00ff"));
}

#[test]
fn request_envelope_is_json_rpc_2() {
    let r = RpcCall::get_chain_tips().into_request(42);
    assert_eq!(r.jsonrpc, "2.0");
    assert_eq!(r.id, 42);
    assert_eq!(r.method, "getchaintips");
    assert!(r.params.is_empty());
}

#[test]
fn failure_messages() {
    assert_eq!(RpcFailure::Transport("down".into()).message(), "RPC request failed: down");
    assert_eq!(RpcFailure::Malformed("eof".into()).message(), "Failed to parse RPC response: eof");
    assert_eq!(RpcFailure::Remote("{\"code\":-5}".into()).message(), "RPC error: {\"code\":-5}");
    assert_eq!(RpcFailure::Parse("missing field".into()).message(), "Parse error: missing field");
    assert_eq!(RpcFailure::ExpectedString.message(), "Expected string");
}

#[test]
fn reply_with_error_fails() {
    match settle_reply(Some("{\"code\":-8}".to_string())) {
        Err(RpcFailure::Remote(e)) => assert_eq!(e, "{\"code\":-8}"),
        _ => panic!("expected a remote failure"),
    }
    assert!(settle_reply(None).is_ok());
}

#[test]
fn string_results() {
    assert_eq!(expect_text(Some("h".to_string())).ok(), Some("h".to_string()));
    assert!(matches!(expect_text(None), Err(RpcFailure::ExpectedString)));
}

#[test]
fn substring_search() {
    assert!(text_contains("Wallet file verification failed. Database already exists.", "already exists"));
    assert!(!text_contains("Wallet already loaded", "already exists"));
    assert!(text_contains("abc", ""));
    assert!(text_contains("abc", "abc"));
    assert!(!text_contains("ab", "abc"));
    assert!(text_contains("aab", "ab"));
}

#[test]
fn wallet_decisions() {
    assert!(has_loaded_wallet(Some(1)));
    assert!(!has_loaded_wallet(Some(0)));
    assert!(!has_loaded_wallet(None));
    assert!(wallet_after_create(Ok(())).is_ok());
    assert!(wallet_after_create(Err("RPC error: Wallet \"default\" already exists.".into())).is_ok());
    assert_eq!(wallet_after_create(Err("RPC error: boom".into())), Err("RPC error: boom".to_string()));
}

fn tips(v: &[&str]) -> Option<Vec<String>> {
    Some(v.iter().map(|t| t.to_string()).collect())
}

#[test]
fn poll_rebuilds_only_on_change() {
    let mut t = PollTracker::new();
    assert!(t.observe(Some("h1".to_string()), tips(&["h1"])));
    assert!(!t.observe(Some("h1".to_string()), tips(&["h1"])));
    assert!(t.observe(Some("h1".to_string()), tips(&["h1", "s1"])));
    assert!(t.observe(Some("h2".to_string()), tips(&["h2", "s1"])));
    assert!(!t.observe(Some("h2".to_string()), tips(&["s1", "h2"])));
    assert_eq!(t.last_best, "h2");
    assert_eq!(t.last_tips.len(), 2);
}

#[test]
fn poll_sees_a_grown_stale_branch() {
    let mut t = PollTracker::new();
    assert!(t.observe(Some("a".to_string()), tips(&["a", "s1"])));
    // the stale branch grows from s1 to s2: same number of tips, new tip set
    assert!(t.observe(Some("a".to_string()), tips(&["a", "s2"])));
}

#[test]
fn poll_without_best_hash_is_skipped() {
    let mut t = PollTracker::new();
    assert!(t.observe(Some("a".to_string()), tips(&["a"])));
    assert!(!t.observe(None, None));
    assert_eq!(t.last_best, "a");
    assert!(!t.observe(Some("a".to_string()), tips(&["a"])));
}

#[test]
fn poll_with_unlisted_tips_counts_no_tips() {
    let mut t = PollTracker::new();
    assert!(t.observe(Some("a".to_string()), tips(&["a"])));
    assert!(t.observe(Some("a".to_string()), None));
    assert!(t.last_tips.is_empty());
    assert!(!t.observe(Some("a".to_string()), Some(Vec::new())));
}

#[test]
fn first_poll_with_no_tips_and_empty_hash_is_quiet() {
    let mut t = PollTracker::new();
    assert!(!t.observe(Some(String::new()), None));
}

#[test]
fn failed_rebuild_is_retried_and_success_is_announced() {
    let mut t = PollTracker::new();
    assert!(t.observe(Some("a".to_string()), tips(&["a"])));
    assert!(t.finish_rebuild(false, "a".to_string()).is_none());
    assert!(t.retry);
    assert!(t.observe(Some("a".to_string()), tips(&["a"])));
    match t.finish_rebuild(true, "a".to_string()) {
        Some(BlockEvent::NewBlock { hash }) => assert_eq!(hash, "a"),
        _ => panic!("expected NewBlock"),
    }
    assert!(!t.observe(Some("a".to_string()), tips(&["a"])));
}

#[test]
fn bad_gateway_carries_the_message() {
    let e = ApiError::bad_gateway("RPC error: x".to_string());
    assert_eq!(e.status, 502);
    assert_eq!(e.message, "RPC error: x");
}

#[test]
fn block_events_hold_their_fields() {
    match (BlockEvent::NewBlock { hash: "h".to_string() }) {
        BlockEvent::NewBlock { hash } => assert_eq!(hash, "h"),
        _ => unreachable!(),
    }
    let r = BlockEvent::Reorg { old_tip: "a".into(), new_tip: "b".into(), depth: 2 };
    assert!(matches!(r, BlockEvent::Reorg { depth: 2, .. }));
    assert!(matches!(BlockEvent::ChainUpdate, BlockEvent::ChainUpdate));
}
