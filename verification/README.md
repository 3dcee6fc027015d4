# orphan

Core of a visual chain, fork and reorganisation explorer for Bitcoin Core on
regtest and signet, verified with Verus.

- `src/` — the verified library:
  - `block` — blocks as the node reports them and as the tree holds them;
  - `store` — the block tree keyed by hash, and which blocks form the active
    chain;
  - `chain` — the explorer's state: the tree and the best block;
  - `sync` — rebuilding the tree by walking back from every chain tip;
  - `poll` — deciding when a poll of the node calls for a rebuild;
  - `fork` — the command plan that mines a block on any block, creating forks;
  - `rpc` — credentials, commands, replies and error texts of the node client;
  - `event`, `api` — events for the frontend and error answers of the API.
- `app/` — the HTTP/WebSocket server and the node client's I/O, which run the
  library's plans.
- `tests/` — tests of the library.
