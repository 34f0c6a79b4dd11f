# bsmt

A Jellyfish Merkle tree, written and verified with Verus: a versioned sparse Merkle tree that maps
256-bit keys to the hashes of values, with sixteen children to a node and nodes in a store of the
user's choice.

- `src/` is the library.
  - `tree`, `insert` and `create` hold the tree: updates that return a batch of new and stale nodes,
    and reads that return Merkle proofs; `probe` tells beforehand whether an update can be made.
  - `node_type`, `nibble`, `hash`, `merkle_proof`, `batch`, `reader`, `ranges` and `sorted` hold what
    the tree is made of; `parallel` hands work out to threads.
  - `update` and `lookup` say what updates and reads come to, node by node; `content` says what a tree
    holds and what its root hash is.
  - `laws`, `read_laws`, `write_laws`, `prune_laws`, `batch_laws`, `count_laws` and `cache_laws` prove
    what follows: committed values can be read, proofs prove, other versions are left alone, stale nodes
    are those that the new tree does without, counts are true, the order of pairs does not matter, and
    known hashes change nothing.
  - `mock_tree_store` is a store in memory.
- `tests/` runs the library.
- `app/` puts a thread pool, error messages and serialization round it.
