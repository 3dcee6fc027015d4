//! Chain-tracking core of a visual fork and reorganisation explorer for
//! Bitcoin Core on regtest and signet.
//!
//! The library holds the block tree that the explorer shows, decides which
//! blocks form the active chain, drives the walk that rebuilds the tree from
//! the chain tips, decides when a poll of the node calls for a resync, plans
//! the sequence of node commands that mines a block on top of an arbitrary
//! block (creating a fork), and builds the JSON-RPC commands and error texts
//! of the node client.
pub mod block;
pub mod store;
pub mod chain;
pub mod sync;
pub mod poll;
pub mod fork;
pub mod rpc;
pub mod event;
pub mod api;
