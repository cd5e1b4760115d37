# itx

A proof-of-work UTXO chain and an agent task market on top of it, written
as a Verus library: the rules are executable Rust whose behaviour is stated
in `requires` / `ensures` contracts and proved.

## Layout

- `src/` — the verified library.
  - `u256`, `hash`, `hexcodec`, `text` — 256-bit numbers, SHA-256 hashes,
    hex and decimal text.
  - `crypto` — secp256k1 keys and ECDSA signatures (the curve arithmetic is
    done by `k256`/`ecdsa` behind trusted wrappers).
  - `chain`, `ledger`, `payment` — transactions, blocks, Merkle roots,
    mining, the chain state (unspent outputs, mempool, difficulty), and
    building payments.
  - `protocol`, `storage`, `peers`, `node` — the wire framing and handshake
    decisions, the stores' schema and active-chain record, peer strikes,
    bans and clock samples, and what a node answers its peers.
  - `board`, `api`, `auth`, `ratelimit` — the task market (tasks, claims,
    majority consensus, payouts, reputation, faucet), the hub's request
    rules and answers, signed-request freshness and replay, payout locks,
    and per-client rate limiting.
  - `sync` — batch synchronization: how many blocks a fetch is answered
    with, what a syncing node asks for next, and how it takes a reply.
  - `node` also decides what a node does about each peer request, and
    `peers` how it treats each address while connecting.
  - `mining` — the miner's nonce windows and connection decisions.
- `tests/` — scenarios run against the compiled library.
- `app/` — two programs around the library: `hub`, the read-only side of
  the hub's HTTP server (axum routes over the redb store, with serde
  shapes), and `node`, a chain node (TCP framing and CBOR messages,
  peer connections, sync, a redb block store).  Every rule they apply
  comes from the library.  The miner, the wallet and the hub's write
  endpoints are not part of it.
