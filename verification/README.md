# eth2_ee

A verified execution environment for an Ethereum 2.0 shard, in Verus, with
the tooling that feeds it.

- `interface`: addresses, transactions and their byte format, and the
  `Contract` trait.
- `node`: the environment itself. It reads a data blob (proof offset,
  transactions, state proof), checks the proof's root against the
  pre-state root, reads each recipient's code from the proof and lists the
  module calls for the host to make, then gives the post-state root.
- `ee`, `kernel`: earlier cuts of the same types (call transactions with
  sender, nonce and signature; twenty-byte recipients in the kernel).
- `contracts`: the wallet and hello-world contracts and the storage layout
  that deploys them.
- `engine`: deploys contracts into a state proof and frames transactions
  into a data blob.
- `tree_index`, `merkle_tree`, `node::memory`: the general-index arithmetic
  of `bonsai`, the trees of `arborist` and the proof store of `oof`, behind
  specified wrappers.

`app/` holds the host side: the wasm entry points that talk to the host,
contract compilation, and running blobs in an ewasm runtime.
