# starrol

The verified core of a sequencer that anchors issuers' credential roots in
Merkle trees, and of the prover guests that check batches of insertions and
updates.

## Layout

- `src/` — the library, verified with Verus:
  - `node.rs`, `hashing.rs`: 32-byte nodes and the two parent hashes
    (SHA-256 of the sorted pair, and the zkVM's SHA-256 compression).
  - `merkle.rs`: Merkle roots, building multi-leaf proofs and verifying them,
    optionally collecting one layer of the tree.
  - `multiproof.rs`: the laws of multi-proofs (a built proof verifies its
    leaves, and replaced values against the replaced tree's root; what a
    layer request collects).
  - `roots.rs`: laws of roots and verdicts (zero padding, sibling swaps,
    agreeing parent hashes, the verdict as a root comparison, layer nodes as
    roots of leaf slices).
  - `signature.rs`, `items.rs`, `guest.rs`: issuer signatures and the
    guests' verdicts on batches.
  - `rpc.rs`, `updates.rs`, `store.rs`, `batcher.rs`, `utils.rs`,
    `config.rs`: request screening and answers, update planning, the
    key-value layout of stored trees, batching, and settings.
- `tests/`: tests of the library on concrete values.
- `app/`: the server, the storage back ends, the batching loop and the guest
  entry points, around the library.
