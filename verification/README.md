# btclib

The core of a small Bitcoin-style chain, written in Verus and proved against
its contracts.

- `src/u256.rs`: 256-bit unsigned numbers (limb arithmetic, decimal text).
- `src/types.rs`: digests, timestamps, transactions, headers and blocks.
- `src/utxo.rs`: the unspent-output set, a map kept in a vector whose
  keys are unique (a type invariant).
- `src/mempool.rs`: fees, stable sorting by fee, and the release rules of the pool.
- `src/difficulty.rs`: retargeting, with the scaling done by `bigdecimal`.
- `src/blockchain.rs`: the chain: adding blocks, pooling and expiring
  transactions, replaying outputs, the block reward.
- `src/network.rs`: network messages and their length-prefixed frames.
- `src/laws.rs`: properties that span operations.
- `app/`: CBOR encoding (ciborium, serde), blocking and asynchronous stream
  I/O (std, tokio), saving and loading of chains, blocks and transactions, the
  block and transaction print tools, and the wallet's logging setup.
